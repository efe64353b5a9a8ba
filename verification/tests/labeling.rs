use boundrs::labeling::{
    apply_class_key, repeat_inside, retain_unmarked, toggle_shown_class, BBoxInput, BoxAction, BoxDrawing, PointerEvent,
};
use boundrs::dataset::{DynLabel, LabelColor};
use std::collections::HashSet;

fn ev(drag_started: bool, drag_released: bool, pointer: Option<u32>, tiny: bool) -> PointerEvent<u32> {
    PointerEvent {
        secondary_clicked: false,
        secondary_down: false,
        drag_started,
        drag_released,
        pointer,
        tiny_drag: tiny,
    }
}

fn is_add(a: &BoxAction<u32>, p1: u32, p2: u32) -> bool {
    matches!(a, BoxAction::Add(x, y) if *x == p1 && *y == p2)
}

#[test]
fn a_drag_draws_a_box() {
    let mut d: BoxDrawing<u32> = BoxDrawing::new();
    assert!(d.handle_pointer(&ev(true, false, Some(1), false)).is_empty());
    assert!(matches!(d.bbox_input, BBoxInput::Partial(1)));
    assert!(d.handle_pointer(&ev(false, false, Some(5), false)).is_empty());
    let a = d.handle_pointer(&ev(false, true, Some(9), false));
    assert_eq!(a.len(), 1);
    assert!(is_add(&a[0], 1, 9));
    assert!(matches!(d.bbox_input, BBoxInput::Empty));
    assert!(d.mask_needs_update);
}

#[test]
fn a_tiny_drag_keeps_the_first_corner() {
    let mut d: BoxDrawing<u32> = BoxDrawing::new();
    d.handle_pointer(&ev(true, false, Some(1), false));
    assert!(d.handle_pointer(&ev(false, true, Some(2), true)).is_empty());
    assert!(matches!(d.bbox_input, BBoxInput::Partial(1)));
}

#[test]
fn right_click_removes_and_holds_drawing() {
    let mut d: BoxDrawing<u32> = BoxDrawing::new();
    let e = PointerEvent {
        secondary_clicked: true,
        secondary_down: true,
        drag_started: true,
        drag_released: false,
        pointer: Some(4),
        tiny_drag: false,
    };
    let a = d.handle_pointer(&e);
    assert_eq!(a.len(), 1);
    assert!(matches!(a[0], BoxAction::RemoveAt(4)));
    assert!(matches!(d.bbox_input, BBoxInput::Empty));
    assert!(d.mask_needs_update);
}

#[test]
fn repeat_mode_is_used_once() {
    let mut d: BoxDrawing<u32> = BoxDrawing::new();
    d.toggle_repeat_mode();
    d.handle_pointer(&ev(true, false, Some(1), false));
    let a = d.handle_pointer(&ev(false, true, Some(8), false));
    assert!(matches!(a[..], [BoxAction::RepeatInside(1, 8)]));
    assert!(!d.repeat_mode);
    assert!(matches!(d.bbox_input, BBoxInput::Empty));
}

#[test]
fn region_delete_keeps_the_box_for_the_next_frame() {
    let mut d: BoxDrawing<u32> = BoxDrawing::new();
    d.toggle_repeat_mode();
    d.toggle_region_delete_mode();
    assert!(!d.repeat_mode && d.region_delete_mode);
    d.handle_pointer(&ev(true, false, Some(2), false));
    let a = d.handle_pointer(&ev(false, true, Some(7), false));
    assert!(matches!(a[..], [BoxAction::DeleteTouching(2, 7)]));
    assert!(matches!(d.bbox_input, BBoxInput::Finished(2, 7)));
    let b = d.handle_pointer(&ev(false, false, None, false));
    assert_eq!(b.len(), 1);
    assert!(is_add(&b[0], 2, 7));
    assert!(matches!(d.bbox_input, BBoxInput::Empty));
}

#[test]
fn retain_and_repeat_inside() {
    assert_eq!(retain_unmarked(vec![1, 2, 3, 4], &vec![false, true, true, false]), vec![1, 4]);
    let r = repeat_inside(vec![1, 2, 3], &vec![false, true, false], vec![7, 8], &vec![true, false]);
    assert_eq!(r, vec![1, 3, 7]);
}

#[test]
fn retain_keeps_or_drops_every_item() {
    let items = vec![5, 6, 7, 8, 9];
    let marks = vec![true, false, true, true, false];
    let kept = retain_unmarked(items.clone(), &marks);
    let inside = repeat_inside(vec![], &vec![], items.clone(), &marks);
    assert_eq!(kept.len() + inside.len(), items.len());
}

#[test]
fn toggling_a_class_twice_restores_the_filter() {
    let mut shown: HashSet<usize> = [1].into_iter().collect();
    toggle_shown_class(&mut shown, 2);
    assert!(shown.contains(&2));
    toggle_shown_class(&mut shown, 2);
    assert_eq!(shown, [1].into_iter().collect());
    toggle_shown_class(&mut shown, 1);
    assert!(shown.is_empty());
}

fn label(i: usize) -> DynLabel {
    DynLabel { i, name: format!("c{i}"), color: LabelColor { r: 0, g: 0, b: 0 }, keys: vec![] }
}

#[test]
fn class_key_toggles_with_filter_and_selects_without() {
    let mut shown: HashSet<usize> = HashSet::from([1]);
    let mut current = label(0);
    assert!(apply_class_key(true, label(2), &mut shown, &mut current));
    assert_eq!(shown, HashSet::from([1, 2]));
    assert_eq!(current.i, 0);
    assert!(apply_class_key(true, label(1), &mut shown, &mut current));
    assert_eq!(shown, HashSet::from([2]));
    assert!(!apply_class_key(false, label(5), &mut shown, &mut current));
    assert_eq!(current.i, 5);
    assert_eq!(current.name, "c5");
    assert_eq!(shown, HashSet::from([2]));
}
