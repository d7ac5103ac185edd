//! Tests of the animation state machine, the draw traversal, and the
//! bounding box.

use sprite::{Quad, Rect, Rgb, Sprite, Texture, Transform, TransformOp};

fn tex() -> Texture {
    Texture::new(0, 100, 50)
}

fn quads_of(s: &Sprite) -> Vec<Quad> {
    let mut out = Vec::new();
    s.draw(&Transform::identity(), &mut out);
    out
}

fn frame(i: i64) -> Rect {
    Rect { x: i * 10_000, y: 0, w: 10_000, h: 20_000 }
}

fn walk_frames() -> Vec<Rect> {
    vec![frame(0), frame(1), frame(2)]
}

#[test]
fn idle_draw_uses_full_texture_extent() {
    let mut s = Sprite::from_texture(tex());
    let full = Rect { x: 0, y: 0, w: 100_000, h: 50_000 };
    assert_eq!(quads_of(&s)[0].src, full);
    s.update(100);
    s.update(4_000_000_000);
    assert_eq!(quads_of(&s)[0].src, full);
}

#[test]
fn explicit_src_rect_is_used_when_idle() {
    let r = Rect { x: 5_000, y: 6_000, w: 7_000, h: 8_000 };
    let s = Sprite::from_texture_rect(tex(), r);
    assert_eq!(quads_of(&s)[0].src, r);
}

#[test]
fn repeat_clip_wraps_to_frame_zero() {
    let mut s = Sprite::from_texture(tex());
    s.add_frameset("walk", true, 100, walk_frames());
    s.play("walk", None);
    assert_eq!(quads_of(&s)[0].src, frame(0));
    s.update(100);
    assert_eq!(quads_of(&s)[0].src, frame(1));
    s.update(100);
    assert_eq!(quads_of(&s)[0].src, frame(2));
    s.update(100);
    assert_eq!(quads_of(&s)[0].src, frame(0));
}

#[test]
fn non_repeat_clip_freezes_on_last_frame() {
    let mut s = Sprite::from_texture(tex());
    s.add_frameset("once", false, 100, walk_frames());
    s.play("once", None);
    s.update(100);
    s.update(100);
    assert_eq!(quads_of(&s)[0].src, frame(2));
    s.update(100);
    assert_eq!(quads_of(&s)[0].src, frame(2));
    s.update(100);
    assert_eq!(quads_of(&s)[0].src, frame(2));
}

#[test]
fn small_steps_accumulate_before_advancing() {
    let mut s = Sprite::from_texture(tex());
    s.add_frameset("walk", true, 100, walk_frames());
    s.play("walk", None);
    s.update(60);
    assert_eq!(quads_of(&s)[0].src, frame(0));
    s.update(60);
    assert_eq!(quads_of(&s)[0].src, frame(1));
}

#[test]
fn followup_chains_to_next_clip_at_frame_zero() {
    let mut s = Sprite::from_texture(tex());
    let a = vec![frame(0), frame(1)];
    let b = vec![
        Rect { x: 0, y: 30_000, w: 10_000, h: 20_000 },
        Rect { x: 10_000, y: 30_000, w: 10_000, h: 20_000 },
    ];
    s.add_frameset("a", false, 100, a);
    s.add_frameset("b", false, 100, b.clone());
    s.play("a", Some("b"));
    s.update(100); // frame 0 -> 1 of a
    assert_eq!(quads_of(&s)[0].src, frame(1));
    s.update(100); // past a's last frame: chain into b at frame 0
    assert_eq!(quads_of(&s)[0].src, b[0]);
    s.update(100); // b advances on its own, no further followup
    assert_eq!(quads_of(&s)[0].src, b[1]);
    s.update(100); // b does not repeat: freeze
    assert_eq!(quads_of(&s)[0].src, b[1]);
}

#[test]
fn duplicate_frameset_name_is_ignored() {
    let mut s = Sprite::from_texture(tex());
    s.add_frameset("walk", true, 100, walk_frames());
    let other = vec![Rect { x: 999, y: 999, w: 1_000, h: 1_000 }];
    s.add_frameset("walk", false, 5_000, other);
    s.play("walk", None);
    s.update(100);
    // the first registration is authoritative: three frames, 0.1s each
    assert_eq!(quads_of(&s)[0].src, frame(1));
}

#[test]
fn play_unknown_name_keeps_state_but_sets_followup() {
    let mut s = Sprite::from_texture(tex());
    s.add_frameset("walk", true, 100, walk_frames());
    s.play("walk", None);
    s.update(100);
    s.play("missing", None);
    assert_eq!(quads_of(&s)[0].src, frame(1));
    s.update(100);
    assert_eq!(quads_of(&s)[0].src, frame(2));
}

#[test]
fn horizontal_frameset_tiles_rightward() {
    let mut s = Sprite::from_texture(tex());
    let base = Rect { x: 777, y: 4_000, w: 10_000, h: 20_000 };
    s.add_frameset_horizontal("run", true, 100, base, 3);
    s.play("run", None);
    assert_eq!(quads_of(&s)[0].src, Rect { x: 0, y: 4_000, w: 10_000, h: 20_000 });
    s.update(100);
    assert_eq!(quads_of(&s)[0].src, Rect { x: 10_000, y: 4_000, w: 10_000, h: 20_000 });
    s.update(100);
    assert_eq!(quads_of(&s)[0].src, Rect { x: 20_000, y: 4_000, w: 10_000, h: 20_000 });
}

#[test]
fn bounding_box_scales_and_offsets_by_anchor() {
    let mut s = Sprite::from_texture(tex());
    s.set_position(10_000, 20_000);
    s.set_scale(2_000, 2_000);
    let bb = s.bounding_box();
    assert_eq!(bb, Rect { x: -90_000, y: -30_000, w: 200_000, h: 100_000 });
}

#[test]
fn draw_quad_carries_transform_color_and_anchor() {
    let mut s = Sprite::from_texture(tex());
    s.set_position(10_000, 20_000);
    s.set_rotation(45_000);
    s.set_scale(2_000, 3_000);
    s.set_color(100, 200, 300);
    s.set_opacity(400);
    let q = &quads_of(&s)[0];
    assert_eq!(q.color, Rgb { r: 100, g: 200, b: 300 });
    assert_eq!(q.opacity, 400);
    // anchor 0.5 of the 100x50 texture: (50, 25) in fixed point
    assert_eq!(q.dest, Rect { x: -50_000, y: -25_000, w: 100_000, h: 50_000 });
    assert_eq!(
        q.transform.ops,
        vec![
            TransformOp::Translate { x: 10_000, y: 20_000 },
            TransformOp::RotateDeg { deg: 45_000 },
            TransformOp::Scale { x: 2_000, y: 3_000 },
        ]
    );
}

#[test]
fn flip_x_affects_only_own_quad() {
    let mut root = Sprite::from_texture(tex());
    let mut child = Sprite::from_texture(tex());
    child.set_position(1_000, 2_000);
    root.add_child(child);
    let before = quads_of(&root);
    root.set_flip_x(true);
    let after = quads_of(&root);
    assert_eq!(before.len(), 2);
    assert_eq!(after.len(), 2);
    // the child quad is exactly what it was, transform included
    assert_eq!(after[1].transform.ops, before[1].transform.ops);
    assert_eq!(after[1].src, before[1].src);
    assert_eq!(after[1].dest, before[1].dest);
    // the root's own quad changed only in its transform: it gained the
    // mirror steps, pivoting about the anchor (50, 25 of a 100x50 texture)
    assert_eq!(after[0].src, before[0].src);
    assert_eq!(after[0].dest, before[0].dest);
    assert_eq!(after[0].color, before[0].color);
    let mut expected = before[0].transform.ops.clone();
    expected.push(TransformOp::Translate { x: 100_000 - 2 * 50_000, y: 0 });
    expected.push(TransformOp::FlipH);
    assert_eq!(after[0].transform.ops, expected);
}

#[test]
fn draw_tinted_overrides_color_for_whole_subtree() {
    let mut root = Sprite::from_texture(tex());
    let mut child = Sprite::from_texture(tex());
    root.set_color(100, 100, 100);
    child.set_color(200, 200, 200);
    child.set_opacity(700);
    root.add_child(child);
    let mut out = Vec::new();
    root.draw_tinted(&Transform::identity(), &mut out, Rgb { r: 1, g: 2, b: 3 });
    assert_eq!(out.len(), 2);
    assert_eq!(out[0].color, Rgb { r: 1, g: 2, b: 3 });
    assert_eq!(out[1].color, Rgb { r: 1, g: 2, b: 3 });
    // each node keeps its own opacity
    assert_eq!(out[0].opacity, 1000);
    assert_eq!(out[1].opacity, 700);
}

#[test]
fn child_transform_inherits_parent_without_flips() {
    let mut root = Sprite::from_texture(tex());
    root.set_position(5_000, 6_000);
    root.set_flip_x(true);
    let mut child = Sprite::from_texture(tex());
    child.set_position(7_000, 8_000);
    root.add_child(child);
    let out = quads_of(&root);
    assert_eq!(
        out[1].transform.ops,
        vec![
            TransformOp::Translate { x: 5_000, y: 6_000 },
            TransformOp::RotateDeg { deg: 0 },
            TransformOp::Scale { x: 1_000, y: 1_000 },
            TransformOp::Translate { x: 7_000, y: 8_000 },
            TransformOp::RotateDeg { deg: 0 },
            TransformOp::Scale { x: 1_000, y: 1_000 },
        ]
    );
}
