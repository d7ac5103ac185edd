//! Tests of construction, accessors, and the children tree.

use sprite::{Rect, Sprite, Texture, Transform};

fn tex() -> Texture {
    Texture::new(0, 100, 50)
}

fn quads_of(s: &Sprite) -> Vec<sprite::Quad> {
    let mut out = Vec::new();
    s.draw(&Transform::identity(), &mut out);
    out
}

#[test]
fn fresh_sprite_defaults() {
    let s = Sprite::from_texture(tex());
    assert!(s.get_visible());
    assert_eq!(s.get_anchor(), (500, 500));
    assert_eq!(s.get_position(), (0, 0));
    assert_eq!(s.get_rotation(), 0);
    assert_eq!(s.get_scale(), (1000, 1000));
    assert_eq!(s.get_color(), (1000, 1000, 1000));
    assert_eq!(s.get_opacity(), 1000);
    assert!(!s.get_flip_x());
    assert!(!s.get_flip_y());
    assert_eq!(s.get_src_rect(), None);
    assert_eq!(*s.get_texture(), tex());
    assert_eq!(s.children().len(), 0);
}

#[test]
fn accessors_roundtrip() {
    let mut s = Sprite::from_texture(tex());
    s.set_visible(false);
    assert!(!s.get_visible());
    s.set_anchor(0, 250);
    assert_eq!(s.get_anchor(), (0, 250));
    s.set_position(-1500, 2500);
    assert_eq!(s.get_position(), (-1500, 2500));
    s.set_rotation(90_000);
    assert_eq!(s.get_rotation(), 90_000);
    s.set_scale(2000, 3000);
    assert_eq!(s.get_scale(), (2000, 3000));
    s.set_color(100, 200, 300);
    assert_eq!(s.get_color(), (100, 200, 300));
    s.set_opacity(500);
    assert_eq!(s.get_opacity(), 500);
    s.set_flip_x(true);
    s.set_flip_y(true);
    assert!(s.get_flip_x() && s.get_flip_y());
    let r = Rect { x: 1000, y: 2000, w: 3000, h: 4000 };
    s.set_src_rect(r);
    assert_eq!(s.get_src_rect(), Some(r));
    let t2 = Texture::new(7, 8, 9);
    s.set_texture(t2);
    assert_eq!(*s.get_texture(), t2);
}

#[test]
fn ids_are_distinct_across_creations() {
    let mut ids: Vec<u128> = Vec::new();
    for _ in 0..64 {
        let s = Sprite::from_texture(tex());
        assert_eq!(s.id(), s.id());
        ids.push(s.id());
    }
    for i in 0..ids.len() {
        for j in 0..i {
            assert_ne!(ids[i], ids[j]);
        }
    }
}

#[test]
fn add_child_returns_id_and_orders_children() {
    let mut root = Sprite::from_texture(tex());
    let a = Sprite::from_texture(tex());
    let b = Sprite::from_texture(tex());
    let ida = a.id();
    let idb = b.id();
    assert_eq!(root.add_child(a), ida);
    assert_eq!(root.add_child(b), idb);
    let kids = root.children();
    assert_eq!(kids.len(), 2);
    assert_eq!(kids[0].id(), ida);
    assert_eq!(kids[1].id(), idb);
}

#[test]
fn child_finds_direct_and_deep() {
    let mut root = Sprite::from_texture(tex());
    let mut mid = Sprite::from_texture(tex());
    let leaf = Sprite::from_texture(tex());
    let id_leaf = leaf.id();
    mid.add_child(leaf);
    let id_mid = mid.id();
    root.add_child(mid);

    assert_eq!(root.child(id_mid).map(|c| c.id()), Some(id_mid));
    assert_eq!(root.child(id_leaf).map(|c| c.id()), Some(id_leaf));
    assert!(root.child(12345).is_none());
}

#[test]
fn remove_absent_id_changes_nothing() {
    let mut root = Sprite::from_texture(tex());
    let a = Sprite::from_texture(tex());
    let ida = a.id();
    root.add_child(a);
    assert!(root.remove_child(999).is_none());
    assert_eq!(root.children().len(), 1);
    assert_eq!(root.children()[0].id(), ida);
}

#[test]
fn remove_direct_child_reindexes_tail() {
    let mut root = Sprite::from_texture(tex());
    let ids: Vec<u128> = (0..4).map(|_| root.add_child(Sprite::from_texture(tex()))).collect();
    let removed = root.remove_child(ids[1]).expect("present");
    assert_eq!(removed.id(), ids[1]);
    let left: Vec<u128> = root.children().iter().map(|c| c.id()).collect();
    assert_eq!(left, vec![ids[0], ids[2], ids[3]]);
    // the index still finds every remaining child, and removal by the
    // shifted positions still works in order
    for &id in &[ids[0], ids[2], ids[3]] {
        assert_eq!(root.child(id).map(|c| c.id()), Some(id));
    }
    let removed2 = root.remove_child(ids[3]).expect("present");
    assert_eq!(removed2.id(), ids[3]);
    let left2: Vec<u128> = root.children().iter().map(|c| c.id()).collect();
    assert_eq!(left2, vec![ids[0], ids[2]]);
}

#[test]
fn remove_grandchild_removes_exactly_that_node() {
    let mut root = Sprite::from_texture(tex());
    let mut mid_a = Sprite::from_texture(tex());
    let mut mid_b = Sprite::from_texture(tex());
    let ga = Sprite::from_texture(tex());
    let gb1 = Sprite::from_texture(tex());
    let gb2 = Sprite::from_texture(tex());
    let id_ga = ga.id();
    let id_gb1 = gb1.id();
    let id_gb2 = gb2.id();
    mid_a.add_child(ga);
    mid_b.add_child(gb1);
    mid_b.add_child(gb2);
    let id_mid_a = mid_a.id();
    let id_mid_b = mid_b.id();
    root.add_child(mid_a);
    root.add_child(mid_b);

    let removed = root.remove_child(id_gb1).expect("grandchild present");
    assert_eq!(removed.id(), id_gb1);
    // sibling order and count unchanged at every level
    let top: Vec<u128> = root.children().iter().map(|c| c.id()).collect();
    assert_eq!(top, vec![id_mid_a, id_mid_b]);
    assert_eq!(root.children()[0].children().len(), 1);
    assert_eq!(root.children()[0].children()[0].id(), id_ga);
    let under_b: Vec<u128> = root.children()[1].children().iter().map(|c| c.id()).collect();
    assert_eq!(under_b, vec![id_gb2]);
    // the removed node is gone from the whole tree
    assert!(root.child(id_gb1).is_none());
}

#[test]
fn visibility_skips_whole_subtree() {
    let mut root = Sprite::from_texture(tex());
    let mut mid = Sprite::from_texture(tex());
    mid.add_child(Sprite::from_texture(tex()));
    root.add_child(mid);
    assert_eq!(quads_of(&root).len(), 3);
    root.set_visible(false);
    assert_eq!(quads_of(&root).len(), 0);
}

#[test]
fn removed_node_keeps_its_own_subtree() {
    let mut root = Sprite::from_texture(tex());
    let mut mid = Sprite::from_texture(tex());
    let leaf = Sprite::from_texture(tex());
    let id_leaf = leaf.id();
    mid.add_child(leaf);
    let id_mid = mid.id();
    root.add_child(mid);

    let removed = root.remove_child(id_mid).expect("present");
    assert_eq!(removed.id(), id_mid);
    assert_eq!(removed.children().len(), 1);
    assert_eq!(removed.children()[0].id(), id_leaf);
    assert_eq!(root.children().len(), 0);
    assert!(root.child(id_leaf).is_none());
}

#[test]
fn child_mut_edits_node_in_place() {
    let mut root = Sprite::from_texture(tex());
    let mut mid = Sprite::from_texture(tex());
    let leaf = Sprite::from_texture(tex());
    let id_leaf = leaf.id();
    mid.add_child(leaf);
    let id_mid = mid.id();
    root.add_child(mid);

    root.child_mut(id_mid).expect("direct child").set_position(1_000, 2_000);
    root.child_mut(id_leaf).expect("grandchild").set_position(3_000, 4_000);
    assert!(root.child_mut(424_242).is_none());

    assert_eq!(root.child(id_mid).unwrap().get_position(), (1_000, 2_000));
    assert_eq!(root.child(id_leaf).unwrap().get_position(), (3_000, 4_000));
}
