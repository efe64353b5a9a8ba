use boundrs::check::Overlap;
use boundrs::dataset::{DatasetMovement, DynLabelConfig, DynLabelSpec};
use boundrs::relabeling::{
    find_next_highlighted, relabel_movement, remapped_class, should_auto_advance, suit_for_keys,
    take_similar_bbs,
};

use Overlap::{Above, Below, Neither};

#[test]
fn suit_keys_in_order_of_precedence() {
    assert_eq!(suit_for_keys(true, true, false, false), Some(0));
    assert_eq!(suit_for_keys(false, true, true, false), Some(1));
    assert_eq!(suit_for_keys(false, false, true, true), Some(2));
    assert_eq!(suit_for_keys(false, false, false, true), Some(3));
    assert_eq!(suit_for_keys(false, false, false, false), None);
}

#[test]
fn remapped_class_keeps_the_value() {
    let names: Vec<DynLabelSpec> =
        (0..52).map(|i| DynLabelSpec { keys: vec![], name: format!("c{i}") }).collect();
    let config = DynLabelConfig::new(names);
    let l = remapped_class(&config, 2, 17);
    assert_eq!(l.i, 2 * 13 + 4);
    assert_eq!(l.name, "c30");
    assert_eq!(l.i % 13, 17 % 13);
}

#[test]
fn the_next_highlighted_box_overlaps_no_new_box() {
    let m = vec![vec![Above, Below], vec![Below, Neither], vec![Below, Below], vec![Below, Below]];
    assert_eq!(find_next_highlighted(&m, 2), Some(2));
    assert_eq!(find_next_highlighted(&vec![vec![Above]], 1), None);
    assert_eq!(find_next_highlighted(&vec![vec![], vec![]], 0), Some(0));
}

#[test]
fn similar_boxes_need_overlap_and_value() {
    let old = vec![1, 2, 3];
    let cand = vec![14, 2, 15, 3];
    let m = vec![
        vec![Above, Below, Above, Below],
        vec![Below, Above, Below, Below],
        vec![Above, Below, Below, Neither],
    ];
    assert_eq!(take_similar_bbs(&old, &cand, &m), vec![(0, 0), (1, 1)]);
}

#[test]
fn moving_on_needs_every_box_relabeled() {
    assert!(relabel_movement(true, false, 2, 3).is_none());
    assert!(matches!(relabel_movement(true, false, 3, 3), Some(DatasetMovement::Next)));
    assert!(matches!(relabel_movement(false, true, 2, 3), Some(DatasetMovement::Previous)));
    assert!(relabel_movement(true, true, 3, 3).is_none());
    assert!(should_auto_advance(2, 2, None, true));
    assert!(!should_auto_advance(2, 2, Some(0), true));
    assert!(!should_auto_advance(2, 2, None, false));
    assert!(!should_auto_advance(1, 2, None, true));
}
