use boundrs::dataset::{DynLabelConfig, DynLabelSpec, LabelColor};
use std::collections::HashSet;

fn spec(keys: &[u32], name: &str) -> DynLabelSpec {
    DynLabelSpec { keys: keys.to_vec(), name: name.to_string() }
}

fn config() -> DynLabelConfig {
    DynLabelConfig::new(vec![
        spec(&[1], "Ace"),
        spec(&[2], "Two"),
        spec(&[3, 4], "Three"),
        spec(&[3], "Four"),
    ])
}

#[test]
fn color_for_follows_the_palette() {
    let c = config();
    assert_eq!(c.color_for(0), LabelColor { r: 0x2f, g: 0x4f, b: 0x4f });
    assert_eq!(c.color_for(4), LabelColor { r: 0xff, g: 0x00, b: 0x00 });
    assert_eq!(c.color_for(12), LabelColor { r: 0xff, g: 0x69, b: 0xb6 });
}

#[test]
fn color_for_repeats_every_thirteen_classes() {
    let c = config();
    for i in 0..40 {
        assert_eq!(c.color_for(i), c.color_for(i + 13));
    }
    assert_eq!(c.color_for(13), LabelColor { r: 0x2f, g: 0x4f, b: 0x4f });
}

#[test]
fn label_from_usize_resolves_existing_classes() {
    let c = config();
    let l = c.label_from_usize(2).unwrap();
    assert_eq!(l.i, 2);
    assert_eq!(l.name, "Three");
    assert_eq!(l.keys, vec![3, 4]);
    assert_eq!(l.color, c.color_for(2));
    assert!(c.label_from_usize(4).is_none());
    assert_eq!(c.num_labels(), 4);
}

#[test]
fn label_from_keys_takes_the_first_label_whose_keys_are_all_pressed() {
    let c = config();
    let pressed: HashSet<u32> = [3, 4].into_iter().collect();
    assert_eq!(c.label_from_keys(&pressed).unwrap().name, "Three");
    let pressed: HashSet<u32> = [3].into_iter().collect();
    assert_eq!(c.label_from_keys(&pressed).unwrap().name, "Four");
    let pressed: HashSet<u32> = [9].into_iter().collect();
    assert!(c.label_from_keys(&pressed).is_none());
    let pressed: HashSet<u32> = HashSet::new();
    assert!(c.label_from_keys(&pressed).is_none());
}

#[test]
fn a_label_without_keys_matches_any_keys() {
    let c = DynLabelConfig::new(vec![spec(&[7], "Seven"), spec(&[], "Any")]);
    let pressed: HashSet<u32> = HashSet::new();
    assert_eq!(c.label_from_keys(&pressed).unwrap().i, 1);
}

#[test]
fn into_label_keeps_name_and_keys() {
    let l = spec(&[5, 6], "Five").into_label(9, LabelColor { r: 1, g: 2, b: 3 });
    assert_eq!(l.i, 9);
    assert_eq!(l.name, "Five");
    assert_eq!(l.keys, vec![5, 6]);
    assert_eq!(l.color, LabelColor { r: 1, g: 2, b: 3 });
}
