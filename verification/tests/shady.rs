use boundrs::check::Overlap;
use boundrs::dataset::{DatasetError, DynLabelConfig, LabelOnDisk};
use boundrs::shady::{
    Augmentation, Dataset, LabelType, Metadata, Model, MultipleLabels, ShadyFinder, SuggestedBox,
};

use Overlap::{Above, Below};

fn meta(model: Model, label_type: LabelType) -> Metadata {
    Metadata { model, label_type, augmentation: Augmentation::PreciseBBox }
}

#[test]
fn cast_folds_classes() {
    let mut l = vec![0, 13, 51, 52, 60];
    LabelType::Value.cast(&mut l);
    assert_eq!(l, vec![0, 0, 12, 0, 8]);
    let mut l = vec![5, 52, 103];
    LabelType::ValueSuit.cast(&mut l);
    assert_eq!(l, vec![5, 0, 51]);
    let mut l = vec![5, 3, 4];
    LabelType::Suit.cast(&mut l);
    assert_eq!(l, vec![1, 3, 0]);
}

#[test]
fn cast_twice_is_cast_once() {
    let mut once = vec![7, 99, 1000];
    LabelType::Value.cast(&mut once);
    let mut twice = once.clone();
    LabelType::Value.cast(&mut twice);
    assert_eq!(once, twice);
}

#[test]
fn metadata_from_directory_names() {
    assert_eq!(Metadata::from_dirname("yolov7_rot"), Metadata {
        model: Model::YoloV7,
        label_type: LabelType::Value,
        augmentation: Augmentation::InpreciseBBox,
    });
    assert_eq!(Metadata::from_dirname("yolov8_only_suit"), Metadata {
        model: Model::YoloV8,
        label_type: LabelType::Suit,
        augmentation: Augmentation::PreciseBBox,
    });
    assert_eq!(Metadata::from_dirname("normal"), meta(Model::YoloV8, LabelType::ValueSuit));
    assert_eq!(Metadata::from_dirname("yolov7_only_suit").label_type, LabelType::Value);
}

#[test]
fn config_files_of_label_types() {
    assert_eq!(LabelType::Value.config_filename(), "labels_13.toml");
    assert_eq!(LabelType::ValueSuit.config_filename(), "labels_52.toml");
    assert_eq!(LabelType::Suit.config_filename(), "labels_suit.toml");
}

#[test]
fn load_points_sorts_and_refuses_nothing() {
    assert_eq!(Dataset::load_points("d", vec![]).err(), Some(DatasetError::Empty));
    let pts = Dataset::load_points("d", vec!["d/10.txt".to_string(), "d/9.txt".to_string()]).unwrap();
    assert_eq!(pts[0].img_name(), "9.txt");
    assert_eq!(pts[1].label_src(), "d/10.txt");
}

fn dataset(name: &str) -> Dataset {
    Dataset::from_dir(name, vec![LabelOnDisk::new("d/1.txt", "d")], DynLabelConfig::new(vec![]))
}

#[test]
fn shady_finder_takes_normal_as_reference() {
    let f = ShadyFinder::new(vec![dataset("yolov7"), dataset("normal"), dataset("only_suit")]);
    assert_eq!(f.normal_dataset.name, "normal");
    assert_eq!(f.normal_dataset.metadata, meta(Model::YoloV8, LabelType::ValueSuit));
    let names: Vec<&str> = f.augmented.iter().map(|d| d.name.as_str()).collect();
    assert_eq!(names, vec!["yolov7", "only_suit"]);
}

fn labels() -> MultipleLabels {
    MultipleLabels {
        normal_index: 0,
        labels: vec![
            (vec![0, 1], meta(Model::YoloV8, LabelType::ValueSuit)),
            (vec![2, 5], meta(Model::YoloV7, LabelType::Value)),
            (vec![1], meta(Model::YoloV8, LabelType::Suit)),
            (vec![3, 2], meta(Model::YoloV8, LabelType::Suit)),
        ],
    }
}

#[test]
fn labels_for_filters_by_metadata() {
    let m = labels();
    assert_eq!(m.labels_for(|meta: &Metadata| meta.label_type == LabelType::Suit), vec![2, 3]);
    assert_eq!(m.labels_for(|meta: &Metadata| meta.model == Model::YoloV7), vec![1]);
    assert_eq!(m.labels_for(|_: &Metadata| false), Vec::<usize>::new());
}

#[test]
fn suggested_label_combines_value_and_suit() {
    let m = labels();
    // base (label 1) has boxes of classes 2 and 5
    let overlaps = vec![
        vec![vec![Below, Below], vec![Below, Below]],
        vec![vec![Below, Below], vec![Below, Below]],
        vec![vec![Above], vec![Below]],
        vec![vec![Below, Above], vec![Above, Below]],
    ];
    let s = m.suggested_label(&overlaps);
    assert_eq!(
        s,
        vec![
            SuggestedBox { base_index: 0, class_num: 2 * 13 + 2 },
            SuggestedBox { base_index: 1, class_num: 3 * 13 + 5 },
        ]
    );
    for b in &s {
        assert!(b.class_num < 52);
    }
}

#[test]
fn suggested_label_takes_the_last_of_equally_long_suggestions() {
    let m = labels();
    let overlaps = vec![
        vec![vec![Below, Below], vec![Below, Below]],
        vec![vec![Below, Below], vec![Below, Below]],
        vec![vec![Above], vec![Below]],
        vec![vec![Below, Below], vec![Below, Above]],
    ];
    assert_eq!(m.suggested_label(&overlaps), vec![SuggestedBox { base_index: 1, class_num: 2 * 13 + 5 }]);
}
