use boundrs::check::{LabelDiff, Overlap};
use boundrs::dataset::{DynLabelConfig, DynLabelSpec};

use Overlap::{Above, Below, Neither};

fn config(names: &[&str]) -> DynLabelConfig {
    DynLabelConfig::new(
        names.iter().map(|n| DynLabelSpec { keys: vec![], name: n.to_string() }).collect(),
    )
}

fn transpose(m: &Vec<Vec<Overlap>>, cols: usize) -> Vec<Vec<Overlap>> {
    (0..cols).map(|j| m.iter().map(|row| row[j]).collect()).collect()
}

fn diff(a: Vec<usize>, b: Vec<usize>, ab: Vec<Vec<Overlap>>) -> LabelDiff {
    let ba = transpose(&ab, b.len());
    LabelDiff::new(a, b, ab, ba)
}

#[test]
fn intersection_lists_overlapping_pairs_in_order() {
    let d = diff(vec![0, 1], vec![0, 2, 1], vec![vec![Above, Below, Above], vec![Below, Below, Above]]);
    assert_eq!(d.intersection(), vec![(0, 0), (0, 2), (1, 2)]);
    assert_eq!(d.class_differences_itersection(), vec![(0, 2)]);
}

#[test]
fn only_in_needs_every_overlap_below_the_threshold() {
    let d = diff(
        vec![0, 1, 2],
        vec![0, 1],
        vec![vec![Above, Below], vec![Below, Below], vec![Neither, Below]],
    );
    assert_eq!(d.only_in_a(), vec![1]);
    assert_eq!(d.only_in_b(), vec![1]);
    assert!(!d.are_equal());
}

#[test]
fn an_overlap_equal_to_the_threshold_is_neither_matched_nor_unmatched() {
    let d = diff(vec![3], vec![3], vec![vec![Neither]]);
    assert!(d.intersection().is_empty());
    assert!(d.only_in_a().is_empty());
    assert!(d.only_in_b().is_empty());
    assert!(d.are_equal());
}

#[test]
fn equal_labelings() {
    let d = diff(vec![4, 5], vec![5, 4], vec![vec![Below, Above], vec![Above, Below]]);
    assert!(d.are_equal());
    for (i, j) in d.intersection() {
        assert_eq!(d.a[i], d.b[j]);
    }
}

#[test]
fn empty_labelings_are_equal() {
    let d = LabelDiff::new(vec![], vec![], vec![], vec![]);
    assert!(d.are_equal());
    assert_eq!(d.summary(&config(&[]), &config(&[])), "only a ; only b ; diffs ");
}

#[test]
fn unmatched_boxes_are_in_no_pair() {
    let d = diff(vec![0, 1], vec![1], vec![vec![Below], vec![Above]]);
    let only_a = d.only_in_a();
    assert_eq!(only_a, vec![0]);
    assert!(d.intersection().iter().all(|(i, _)| !only_a.contains(i)));
}

#[test]
fn swapping_the_labelings_swaps_the_unmatched_boxes() {
    let ab = vec![vec![Below, Below], vec![Above, Below]];
    let d = diff(vec![0, 1], vec![2, 3], ab.clone());
    let e = LabelDiff::new(vec![2, 3], vec![0, 1], transpose(&ab, 2), ab);
    assert_eq!(e.only_in_a(), d.only_in_b());
    assert_eq!(e.only_in_b(), d.only_in_a());
    assert_eq!(d.only_in_b(), vec![1]);
}

#[test]
fn summary_lists_several_names_with_commas() {
    let a_config = config(&["A", "B", "C"]);
    let b_config = config(&["x", "y"]);
    let d = diff(vec![0, 1, 2], vec![0, 1], vec![vec![Below, Below], vec![Below, Below], vec![Above, Above]]);
    assert_eq!(d.summary(&a_config, &b_config), "only a A,B; only b ; diffs C != x,C != y");
}

#[test]
fn summary_names_the_differences() {
    let a_config = config(&["A", "2", "3"]);
    let b_config = config(&["Ah", "2h", "3h", "4h"]);
    let d = diff(vec![0, 1, 2], vec![0, 3], vec![vec![Above, Below], vec![Below, Above], vec![Below, Below]]);
    assert_eq!(d.summary(&a_config, &b_config), "only a 3; only b ; diffs 2 != 4h");
}
