use std::collections::HashMap;

use hyst_scene::arena::ShapeKind;
use hyst_scene::compact::DrawRequestedElements;
use hyst_scene::record::{Color, InstanceRecord, Rect};
use hyst_scene::scene::{ElementManager, StructuralError};
use taffy::prelude::{percent, Size, Style, TaffyTree};
use taffy::AvailableSpace;

fn blank() -> InstanceRecord {
    InstanceRecord::new(Rect { x: 0, y: 0, w: 0, h: 0 }, Color { r: 0, g: 0, b: 0, a: 0 })
}

fn tinted(n: u32) -> InstanceRecord {
    InstanceRecord::new(Rect { x: n, y: n, w: n, h: n }, Color { r: n, g: 0, b: 0, a: 1 })
}

fn rect(x: f32, y: f32, w: f32, h: f32) -> Rect {
    Rect { x: x.to_bits(), y: y.to_bits(), w: w.to_bits(), h: h.to_bits() }
}

fn entries(draws: &[DrawRequestedElements]) -> Vec<(char, Vec<u64>)> {
    draws
        .iter()
        .map(|d| match d {
            DrawRequestedElements::Img(v) => ('I', v.clone()),
            DrawRequestedElements::Box(v) => ('B', v.clone()),
        })
        .collect()
}

#[test]
fn create_links_parent_and_child() {
    let mut s = ElementManager::new();
    let r = s.insert_box(1, None, blank()).unwrap();
    let a = s.insert_box(2, Some(r), blank()).unwrap();
    let b = s.insert_image(3, Some(r), blank()).unwrap();
    assert_ne!(r, a);
    assert_ne!(a, b);
    assert_eq!(s.len(), 3);
    assert_eq!(s.roots_keys(), &vec![r]);
    assert_eq!(s.children_of(r), Some(&vec![a, b]));
    let node = s.get_element(b).unwrap();
    assert_eq!(node.parent, Some(r));
    assert_eq!(node.kind, ShapeKind::Image);
    assert_eq!(node.style, 3);
    assert_eq!(node.slot, 0);
    assert_eq!(s.get_element(a).unwrap().slot, 1);
    assert_eq!(s.box_renderer().len(), 2);
    assert_eq!(s.image_renderer().len(), 1);
}

#[test]
fn create_under_stale_parent_fails() {
    let mut s = ElementManager::new();
    let r = s.insert_box(1, None, blank()).unwrap();
    s.remove(r).unwrap();
    assert_eq!(s.insert_box(2, Some(r), blank()), Err(StructuralError::StaleKey(r)));
    assert_eq!(s.insert_text(2, Some(12345)), Err(StructuralError::StaleKey(12345)));
    assert_eq!(s.len(), 0);
    assert_eq!(s.box_renderer().len(), 0);
}

#[test]
fn stale_keys_are_lookup_failures() {
    let mut s = ElementManager::new();
    let a = s.insert_box(1, None, blank()).unwrap();
    assert!(s.get_element(a).is_some());
    s.remove(a).unwrap();
    assert!(s.get_element(a).is_none());
    assert!(s.children_of(a).is_none());
    let b = s.insert_box(1, None, blank()).unwrap();
    assert_ne!(a, b);
    assert!(s.get_element(a).is_none());
    assert!(s.get_element(0).is_none());
    assert_eq!(s.remove(a), Err(StructuralError::StaleKey(a)));
}

#[test]
fn draw_order_groups_each_depth() {
    let mut s = ElementManager::new();
    let r = s.insert_box(1, None, blank()).unwrap();
    let a = s.insert_box(2, Some(r), blank()).unwrap();
    let _b = s.insert_box(3, Some(r), blank()).unwrap();
    let _c = s.insert_box(4, Some(a), blank()).unwrap();
    let draws = s.traverse_elements();
    assert_eq!(entries(&draws), vec![('B', vec![0]), ('B', vec![1, 2]), ('B', vec![3])]);
}

#[test]
fn draw_order_puts_images_before_boxes_within_a_depth() {
    let mut s = ElementManager::new();
    let img = s.insert_image(1, None, blank()).unwrap();
    let _b1 = s.insert_box(2, Some(img), blank()).unwrap();
    let _b2 = s.insert_box(3, Some(img), blank()).unwrap();
    let _r1 = s.insert_box(4, None, blank()).unwrap();
    let r2 = s.insert_box(5, None, blank()).unwrap();
    let _b3 = s.insert_box(6, Some(r2), blank()).unwrap();
    let _t = s.insert_text(7, Some(r2)).unwrap();
    let draws = s.traverse_elements();
    assert_eq!(
        entries(&draws),
        vec![('I', vec![0]), ('B', vec![2, 3]), ('B', vec![0, 1, 4])]
    );
}

#[test]
fn draw_order_of_empty_scene_is_empty() {
    let s = ElementManager::new();
    assert!(s.traverse_elements().is_empty());
}

#[test]
fn remove_cascades_and_patches_moved_slots() {
    let mut s = ElementManager::new();
    let r = s.insert_box(1, None, tinted(1)).unwrap();
    let a = s.insert_box(2, Some(r), tinted(2)).unwrap();
    let c = s.insert_box(3, Some(a), tinted(3)).unwrap();
    let d = s.insert_text(4, Some(c)).unwrap();
    let b = s.insert_box(5, Some(r), tinted(5)).unwrap();
    assert_eq!(s.len(), 5);
    assert_eq!(s.get_children_of(a), vec![c, d]);
    assert_eq!(s.get_children_of(r), vec![a, c, d, b]);
    assert_eq!(s.remove(a), Ok(3));
    assert_eq!(s.len(), 2);
    assert!(s.get_element(a).is_none() && s.get_element(c).is_none() && s.get_element(d).is_none());
    assert_eq!(s.children_of(r), Some(&vec![b]));
    assert_eq!(s.box_renderer().len(), 2);
    let slot_b = s.get_element(b).unwrap().slot;
    assert_eq!(s.box_renderer().get(slot_b), Some(tinted(5)));
    assert_eq!(s.box_renderer().owner(slot_b), Some(b));
    let slot_r = s.get_element(r).unwrap().slot;
    assert_eq!(s.box_renderer().get(slot_r), Some(tinted(1)));
}

#[test]
fn remove_root_updates_root_list() {
    let mut s = ElementManager::new();
    let r1 = s.insert_box(1, None, blank()).unwrap();
    let r2 = s.insert_image(2, None, blank()).unwrap();
    let _k = s.insert_box(3, Some(r2), blank()).unwrap();
    assert_eq!(s.remove(r2), Ok(2));
    assert_eq!(s.roots_keys(), &vec![r1]);
    assert_eq!(s.image_renderer().len(), 0);
    assert_eq!(s.box_renderer().len(), 1);
    assert!(s.get_children_of(r2).is_empty());
}

#[test]
fn layout_rectangles_reach_instances() {
    let mut tree: TaffyTree<()> = TaffyTree::new();
    let root = tree
        .new_leaf(Style { size: Size { width: percent(1.0), height: percent(1.0) }, ..Default::default() })
        .unwrap();
    let node = tree
        .new_leaf(Style { size: Size { width: percent(0.5), height: percent(0.25) }, ..Default::default() })
        .unwrap();
    tree.add_child(root, node).unwrap();
    tree.compute_layout(
        root,
        Size { width: AvailableSpace::Definite(800.0), height: AvailableSpace::Definite(600.0) },
    )
    .unwrap();
    let l = tree.layout(node).unwrap();
    let style = u64::from(node);

    let mut s = ElementManager::new();
    let k = s.insert_box(style, None, tinted(9)).unwrap();
    let mut rects = HashMap::new();
    rects.insert(style, rect(l.location.x, l.location.y, l.size.width, l.size.height));
    let missing = s.apply_layout(&rects);
    assert!(missing.is_empty());
    let slot = s.get_element(k).unwrap().slot;
    let got = s.box_renderer().get(slot).unwrap();
    assert_eq!(got.rect, rect(0.0, 0.0, 400.0, 150.0));
    assert_eq!(got.color, tinted(9).color);
}

#[test]
fn layout_without_rectangle_keeps_last_one() {
    let mut s = ElementManager::new();
    let a = s.insert_box(10, None, tinted(1)).unwrap();
    let b = s.insert_box(11, None, tinted(2)).unwrap();
    let i = s.insert_image(12, None, tinted(3)).unwrap();
    let mut rects = HashMap::new();
    rects.insert(11u64, rect(1.0, 2.0, 3.0, 4.0));
    let missing = s.apply_layout(&rects);
    assert_eq!(missing, vec![a, i]);
    assert_eq!(s.box_renderer().get(s.get_element(a).unwrap().slot), Some(tinted(1)));
    assert_eq!(s.box_renderer().get(s.get_element(b).unwrap().slot).unwrap().rect, rect(1.0, 2.0, 3.0, 4.0));
    assert_eq!(s.image_renderer().get(0), Some(tinted(3)));
}

#[test]
fn update_instance_rewrites_the_element_record() {
    let mut s = ElementManager::new();
    let a = s.insert_box(1, None, tinted(1)).unwrap();
    let b = s.insert_box(2, None, tinted(2)).unwrap();
    let i = s.insert_image(3, None, tinted(3)).unwrap();
    let t = s.insert_text(4, None).unwrap();
    assert_eq!(s.update_instance(b, tinted(7)), Ok(()));
    assert_eq!(s.box_renderer().get(s.get_element(b).unwrap().slot), Some(tinted(7)));
    assert_eq!(s.box_renderer().get(s.get_element(a).unwrap().slot), Some(tinted(1)));
    assert_eq!(s.update_instance(i, tinted(8)), Ok(()));
    assert_eq!(s.image_renderer().get(0), Some(tinted(8)));
    assert_eq!(s.update_instance(t, tinted(9)), Err(StructuralError::NoInstance(t)));
    s.remove(a).unwrap();
    assert_eq!(s.update_instance(a, tinted(9)), Err(StructuralError::StaleKey(a)));
}

#[test]
fn remove_count_is_one_plus_listed_descendants() {
    let mut s = ElementManager::new();
    let r = s.insert_box(1, None, blank()).unwrap();
    let a = s.insert_image(2, Some(r), blank()).unwrap();
    let _b = s.insert_text(3, Some(a)).unwrap();
    let _c = s.insert_box(4, Some(a), blank()).unwrap();
    let d = s.insert_box(5, Some(r), blank()).unwrap();
    let _e = s.insert_box(6, Some(d), blank()).unwrap();
    let _other = s.insert_box(7, None, blank()).unwrap();
    let before = s.len();
    let listed = s.get_children_of(r).len();
    assert_eq!(listed, 5);
    assert_eq!(s.remove(r), Ok(1 + listed));
    assert_eq!(s.len(), before - 1 - listed);
    assert_eq!(s.box_renderer().len(), 1);
    assert_eq!(s.image_renderer().len(), 0);
}
