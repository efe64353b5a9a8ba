use boundrs::conflicts::{
    is_prediction_dir, label_differences, prediction_dirs, prediction_config_file, prediction_label_path, CurrentDataset,
};
use boundrs::dataset::{DynLabelConfig, DynLabelSpec};

#[test]
fn dataset_numbers_round_trip() {
    assert_eq!(CurrentDataset::GroundTruth.to_usize(), 0);
    assert_eq!(CurrentDataset::Predicted(3).to_usize(), 4);
    for i in 0..10 {
        assert_eq!(CurrentDataset::from_usize(i).to_usize(), i);
    }
    assert_eq!(CurrentDataset::from_usize(0), CurrentDataset::GroundTruth);
    assert_eq!(CurrentDataset::from_usize(2), CurrentDataset::Predicted(1));
}

#[test]
fn offset_cycles_through_the_datasets() {
    let mut d = CurrentDataset::GroundTruth;
    d.offset(-1, 3);
    assert_eq!(d, CurrentDataset::Predicted(1));
    d.offset(1, 3);
    assert_eq!(d, CurrentDataset::GroundTruth);
    d.offset(7, 3);
    assert_eq!(d, CurrentDataset::Predicted(0));
    d.offset(-6, 3);
    assert_eq!(d, CurrentDataset::Predicted(0));
    let mut g = CurrentDataset::Predicted(0);
    g.offset(0, 1);
    assert_eq!(g, CurrentDataset::GroundTruth);
}

#[test]
fn offset_there_and_back() {
    for start in 0..5 {
        let mut d = CurrentDataset::from_usize(start);
        d.offset(1, 5);
        d.offset(-1, 5);
        assert_eq!(d.to_usize(), start);
    }
}

#[test]
fn cycle_existing_goes_to_the_next_existing_labeling() {
    let has = vec![true, false, true];
    assert_eq!(CurrentDataset::GroundTruth.cycle_existing(&has), CurrentDataset::Predicted(0));
    assert_eq!(CurrentDataset::Predicted(0).cycle_existing(&has), CurrentDataset::Predicted(2));
    assert_eq!(CurrentDataset::Predicted(2).cycle_existing(&has), CurrentDataset::GroundTruth);
    // from a labeling that does not exist, the closest one counts (the first of equally close)
    assert_eq!(CurrentDataset::Predicted(1).cycle_existing(&has), CurrentDataset::Predicted(2));
    assert_eq!(CurrentDataset::Predicted(5).cycle_existing(&vec![]), CurrentDataset::GroundTruth);
}

#[test]
fn cycle_existing_lands_on_existing_labelings() {
    let has = vec![false, true, false, false, true];
    for cur in 0..7 {
        match CurrentDataset::from_usize(cur).cycle_existing(&has) {
            CurrentDataset::GroundTruth => {}
            CurrentDataset::Predicted(i) => assert!(has[i]),
        }
    }
}

#[test]
fn prediction_directories() {
    assert!(!is_prediction_dir("normal"));
    assert!(is_prediction_dir("normal2"));
    assert!(is_prediction_dir("yolov7_rot"));
    assert_eq!(prediction_config_file("yolov7_rot"), "labels_13.toml");
    assert_eq!(prediction_config_file("yolov8"), "labels_52.toml");
}

fn config(names: &[&str]) -> DynLabelConfig {
    DynLabelConfig::new(names.iter().map(|n| DynLabelSpec { keys: vec![], name: n.to_string() }).collect())
}

#[test]
fn label_differences_count_first_letters() {
    let gt_config = config(&["Ah", "As", "Kh", "2h"]);
    let shown_config = config(&["A", "K", "Q"]);
    let r = label_differences(&vec![0, 1, 2, 3], &gt_config, &vec![0, 2, 2], &shown_config);
    assert_eq!(r, vec![("2".to_string(), 1), ("A".to_string(), 1), ("K".to_string(), 1), ("Q".to_string(), -2)]);
}

#[test]
fn equal_counts_give_no_differences() {
    let c = config(&["Ah", "Kh"]);
    assert!(label_differences(&vec![0, 1], &c, &vec![1, 0], &c).is_empty());
    assert!(label_differences(&vec![], &c, &vec![], &c).is_empty());
}

#[test]
fn prediction_labels_sit_in_the_prediction_directory() {
    assert_eq!(prediction_label_path("preds/yolov7", "12.jpg"), "preds/yolov7/12.txt");
    assert_eq!(prediction_label_path("preds/", "a.b.jpg"), "preds/a.b.txt");
}

#[test]
fn prediction_dirs_are_the_directories_but_normal_by_name() {
    let names: Vec<String> =
        ["yolov8_b", "normal", "notes.txt", "yolov7", "yolov8_a", "Z"].iter().map(|s| s.to_string()).collect();
    let is_dir = vec![true, true, false, true, true, true];
    let dirs = prediction_dirs(names, &is_dir);
    assert_eq!(dirs, vec!["Z".to_string(), "yolov7".to_string(), "yolov8_a".to_string(), "yolov8_b".to_string()]);
    assert!(prediction_dirs(vec!["normal".to_string()], &vec![true]).is_empty());
    let prefixes = prediction_dirs(vec!["ab".to_string(), "a".to_string()], &vec![true, true]);
    assert_eq!(prefixes, vec!["a".to_string(), "ab".to_string()]);
}
